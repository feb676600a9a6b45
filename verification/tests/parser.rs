use sise::decoder::{parse, Error as DecodeError, Limits, PosTree, Token};
use sise::parser::{ParseError, ParsedItem, Parser};
use sise::pos::Pos;
use sise::tree::Node;

fn a(s: &str) -> Node {
    Node::Atom(s.to_string())
}

fn l(items: Vec<Node>) -> Node {
    Node::List(items)
}

fn pt(line: u32, column: u32, children: Vec<PosTree>) -> PosTree {
    PosTree { pos: Pos::new(line, column), children }
}

fn leaf(line: u32, column: u32) -> PosTree {
    pt(line, column, vec![])
}

fn parser_pass(src_data: &str, expected_items: &[ParsedItem]) {
    let mut parser = Parser::new(src_data);
    for parsed_item in expected_items.iter() {
        assert_eq!(parser.next_item().unwrap(), *parsed_item);
    }
    parser.finish().unwrap();
}

fn parser_fail(
    src_data: &str,
    expected_items: &[ParsedItem],
    error_at_finish: bool,
    expected_error: ParseError,
) {
    let mut parser = Parser::new(src_data);
    for parsed_item in expected_items.iter() {
        assert_eq!(parser.next_item().unwrap(), *parsed_item);
    }
    if error_at_finish {
        assert_eq!(parser.finish().unwrap_err(), expected_error);
    } else {
        assert_eq!(parser.next_item().unwrap_err(), expected_error);
    }
}

fn decode_pass(src_data: &[u8], expected_tree: Node, expected_positions: PosTree) {
    let (parsed_tree, parsed_positions) = parse(src_data, &Limits::unlimited()).unwrap();
    assert_eq!(parsed_tree, expected_tree);
    assert_eq!(parsed_positions, expected_positions);
}

fn decode_fail(src_data: &[u8], limits: &Limits, expected_error: DecodeError) {
    let parse_error = parse(src_data, limits).unwrap_err();
    assert_eq!(parse_error, expected_error);
}

#[test]
fn parser_test_empty_list() {
    parser_pass("()", &[ParsedItem::ListStart(0), ParsedItem::ListEnd(1)]);
    decode_pass(b"()", l(vec![]), leaf(0, 0));
}

#[test]
fn parser_test_single_atom() {
    parser_pass("atom", &[ParsedItem::Atom("atom", 0)]);
    decode_pass(b"atom", a("atom"), leaf(0, 0));
}

#[test]
fn parser_test_simple_list_1() {
    parser_pass(
        "(atom-1)",
        &[ParsedItem::ListStart(0), ParsedItem::Atom("atom-1", 1), ParsedItem::ListEnd(7)],
    );
    decode_pass(b"(atom-1)", l(vec![a("atom-1")]), pt(0, 0, vec![leaf(0, 1)]));
}

#[test]
fn parser_test_simple_list_2() {
    parser_pass(
        "(atom-1 atom-2)",
        &[
            ParsedItem::ListStart(0),
            ParsedItem::Atom("atom-1", 1),
            ParsedItem::Atom("atom-2", 8),
            ParsedItem::ListEnd(14),
        ],
    );
    decode_pass(
        b"(atom-1 atom-2)",
        l(vec![a("atom-1"), a("atom-2")]),
        pt(0, 0, vec![leaf(0, 1), leaf(0, 8)]),
    );
}

#[test]
fn parser_test_nested_list_1() {
    parser_pass(
        "(())",
        &[
            ParsedItem::ListStart(0),
            ParsedItem::ListStart(1),
            ParsedItem::ListEnd(2),
            ParsedItem::ListEnd(3),
        ],
    );
    decode_pass(b"(())", l(vec![l(vec![])]), pt(0, 0, vec![leaf(0, 1)]));
}

#[test]
fn parser_test_nested_list_2() {
    parser_pass(
        "(() ())",
        &[
            ParsedItem::ListStart(0),
            ParsedItem::ListStart(1),
            ParsedItem::ListEnd(2),
            ParsedItem::ListStart(4),
            ParsedItem::ListEnd(5),
            ParsedItem::ListEnd(6),
        ],
    );
    decode_pass(b"(() ())", l(vec![l(vec![]), l(vec![])]), pt(0, 0, vec![leaf(0, 1), leaf(0, 4)]));
}

#[test]
fn parser_test_nested_list_3() {
    parser_pass(
        "((atom-1) (atom-2 atom-3))",
        &[
            ParsedItem::ListStart(0),
            ParsedItem::ListStart(1),
            ParsedItem::Atom("atom-1", 2),
            ParsedItem::ListEnd(8),
            ParsedItem::ListStart(10),
            ParsedItem::Atom("atom-2", 11),
            ParsedItem::Atom("atom-3", 18),
            ParsedItem::ListEnd(24),
            ParsedItem::ListEnd(25),
        ],
    );
    decode_pass(
        b"((atom-1) (atom-2 atom-3))",
        l(vec![l(vec![a("atom-1")]), l(vec![a("atom-2"), a("atom-3")])]),
        pt(0, 0, vec![pt(0, 1, vec![leaf(0, 2)]), pt(0, 10, vec![leaf(0, 11), leaf(0, 18)])]),
    );
}

#[test]
fn parser_test_nested_lists() {
    let mut items = Vec::new();
    for i in 0..10 {
        items.push(ParsedItem::ListStart(i));
    }
    for i in 10..20 {
        items.push(ParsedItem::ListEnd(i));
    }
    parser_pass("(((((((((())))))))))", &items);

    let mut tree = l(vec![]);
    let mut positions = leaf(0, 9);
    for i in (0..9).rev() {
        tree = l(vec![tree]);
        positions = pt(0, i, vec![positions]);
    }
    decode_pass(b"(((((((((())))))))))", tree, positions);
}

#[test]
fn parser_test_mixed() {
    parser_pass(
        "(atom-1 (atom-2) (atom-3 (atom-4) atom-5) atom-6)",
        &[
            ParsedItem::ListStart(0),
            ParsedItem::Atom("atom-1", 1),
            ParsedItem::ListStart(8),
            ParsedItem::Atom("atom-2", 9),
            ParsedItem::ListEnd(15),
            ParsedItem::ListStart(17),
            ParsedItem::Atom("atom-3", 18),
            ParsedItem::ListStart(25),
            ParsedItem::Atom("atom-4", 26),
            ParsedItem::ListEnd(32),
            ParsedItem::Atom("atom-5", 34),
            ParsedItem::ListEnd(40),
            ParsedItem::Atom("atom-6", 42),
            ParsedItem::ListEnd(48),
        ],
    );
    decode_pass(
        b"(atom-1 (atom-2) (atom-3 (atom-4) atom-5) atom-6)",
        l(vec![
            a("atom-1"),
            l(vec![a("atom-2")]),
            l(vec![a("atom-3"), l(vec![a("atom-4")]), a("atom-5")]),
            a("atom-6"),
        ]),
        pt(
            0,
            0,
            vec![
                leaf(0, 1),
                pt(0, 8, vec![leaf(0, 9)]),
                pt(0, 17, vec![leaf(0, 18), pt(0, 25, vec![leaf(0, 26)]), leaf(0, 34)]),
                leaf(0, 42),
            ],
        ),
    );
}

#[test]
fn parser_test_atom_chars() {
    parser_pass("!#$%&*+-./:<=>?@_~", &[ParsedItem::Atom("!#$%&*+-./:<=>?@_~", 0)]);
    decode_pass(b"!#$%&*+-./:<=>?@_~", a("!#$%&*+-./:<=>?@_~"), leaf(0, 0));
}

#[test]
fn parser_test_string_1() {
    parser_pass("\"atom-1\"", &[ParsedItem::Atom("\"atom-1\"", 0)]);
    decode_pass(b"\"atom-1\"", a("\"atom-1\""), leaf(0, 0));
}

#[test]
fn parser_test_string_2() {
    parser_pass("prefix\"atom-1\"suffix", &[ParsedItem::Atom("prefix\"atom-1\"suffix", 0)]);
    decode_pass(b"prefix\"atom-1\"suffix", a("prefix\"atom-1\"suffix"), leaf(0, 0));
}

#[test]
fn parser_test_string_3() {
    parser_pass("\" \\\\ \\\" \"", &[ParsedItem::Atom("\" \\\\ \\\" \"", 0)]);
    decode_pass(b"\" \\\\ \\\" \"", a("\" \\\\ \\\" \""), leaf(0, 0));
}

#[test]
fn test_multiline() {
    parser_pass(
        "\n(1 2\r3\r\n4 5)\n",
        &[
            ParsedItem::ListStart(1),
            ParsedItem::Atom("1", 2),
            ParsedItem::Atom("2", 4),
            ParsedItem::Atom("3", 6),
            ParsedItem::Atom("4", 9),
            ParsedItem::Atom("5", 11),
            ParsedItem::ListEnd(12),
        ],
    );
}

#[test]
fn test_multiline_lf() {
    decode_pass(
        b"\n(1 2\n3 4)\n",
        l(vec![a("1"), a("2"), a("3"), a("4")]),
        pt(1, 0, vec![leaf(1, 1), leaf(1, 3), leaf(2, 0), leaf(2, 2)]),
    );
}

#[test]
fn test_multiline_crlf() {
    decode_pass(
        b"\r\n(1 2\r\n3 4)\r\n",
        l(vec![a("1"), a("2"), a("3"), a("4")]),
        pt(1, 0, vec![leaf(1, 1), leaf(1, 3), leaf(2, 0), leaf(2, 2)]),
    );
}

#[test]
fn test_multiline_cr() {
    decode_pass(
        b"\r(1 2\r3 4)\r",
        l(vec![a("1"), a("2"), a("3"), a("4")]),
        pt(1, 0, vec![leaf(1, 1), leaf(1, 3), leaf(2, 0), leaf(2, 2)]),
    );
}

#[test]
fn test_multiline_mixed() {
    decode_pass(
        b"\n\r\r\n(1 2\n\r\r\n3 4)\n\r\r\n",
        l(vec![a("1"), a("2"), a("3"), a("4")]),
        pt(3, 0, vec![leaf(3, 1), leaf(3, 3), leaf(6, 0), leaf(6, 2)]),
    );
}

#[test]
fn test_comment_1() {
    decode_pass(b"; comment\n(1 2)", l(vec![a("1"), a("2")]), pt(1, 0, vec![leaf(1, 1), leaf(1, 3)]));
}

#[test]
fn test_comment_1_lf() {
    parser_pass(
        "; comment\n(1 2)",
        &[
            ParsedItem::ListStart(10),
            ParsedItem::Atom("1", 11),
            ParsedItem::Atom("2", 13),
            ParsedItem::ListEnd(14),
        ],
    );
}

#[test]
fn test_comment_1_cr() {
    parser_pass(
        "; comment\r(1 2)",
        &[
            ParsedItem::ListStart(10),
            ParsedItem::Atom("1", 11),
            ParsedItem::Atom("2", 13),
            ParsedItem::ListEnd(14),
        ],
    );
}

#[test]
fn parser_test_comment_2() {
    parser_pass(
        "(1 2); comment",
        &[
            ParsedItem::ListStart(0),
            ParsedItem::Atom("1", 1),
            ParsedItem::Atom("2", 3),
            ParsedItem::ListEnd(4),
        ],
    );
    decode_pass(b"(1 2); comment", l(vec![a("1"), a("2")]), pt(0, 0, vec![leaf(0, 1), leaf(0, 3)]));
}

#[test]
fn parser_test_comment_3() {
    parser_pass(
        "(1; comment\n2)",
        &[
            ParsedItem::ListStart(0),
            ParsedItem::Atom("1", 1),
            ParsedItem::Atom("2", 12),
            ParsedItem::ListEnd(13),
        ],
    );
    decode_pass(b"(1 2); comment", l(vec![a("1"), a("2")]), pt(0, 0, vec![leaf(0, 1), leaf(0, 3)]));
}

#[test]
fn test_comment_4() {
    decode_pass(b"(1; comment\n2)", l(vec![a("1"), a("2")]), pt(0, 0, vec![leaf(0, 1), leaf(1, 0)]));
}

#[test]
fn parser_test_fail_empty() {
    parser_fail("", &[], false, ParseError::UnexpectedEof { pos: 0 });
    decode_fail(
        b"",
        &Limits::unlimited(),
        DecodeError::UnexpectedToken { pos: Pos::new(0, 0), token: Token::Eof },
    );
}

#[test]
fn parser_test_fail_expected_eof() {
    parser_fail(
        "() ()",
        &[ParsedItem::ListStart(0), ParsedItem::ListEnd(1)],
        true,
        ParseError::ExpectedEof { pos: 3 },
    );
    decode_fail(b"() ()", &Limits::unlimited(), DecodeError::ExpectedEof { pos: Pos::new(0, 3) });
}

#[test]
fn parser_test_fail_unfinished_string() {
    parser_fail("\"atom-1", &[], false, ParseError::UnfinishedString { pos: 7 });
    decode_fail(
        b"\"atom-1",
        &Limits::unlimited(),
        DecodeError::UnfinishedString { pos: Pos::new(0, 7) },
    );
}

#[test]
fn parser_test_fail_unclosed_list() {
    parser_fail(
        "(atom-1",
        &[ParsedItem::ListStart(0), ParsedItem::Atom("atom-1", 1)],
        false,
        ParseError::UnexpectedEof { pos: 7 },
    );
    decode_fail(
        b"(atom-1",
        &Limits::unlimited(),
        DecodeError::UnexpectedToken { pos: Pos::new(0, 7), token: Token::Eof },
    );
}

#[test]
fn test_fail_unexpected_closing() {
    parser_fail(")", &[], false, ParseError::UnexpectedRightParen { pos: 0 });
}

#[test]
fn parser_test_fail_unclosed_list_with_comment() {
    parser_fail(
        "(atom-1 ; comment)",
        &[ParsedItem::ListStart(0), ParsedItem::Atom("atom-1", 1)],
        false,
        ParseError::UnexpectedEof { pos: 18 },
    );
    decode_fail(
        b"(atom-1 ; comment)",
        &Limits::unlimited(),
        DecodeError::UnexpectedToken { pos: Pos::new(0, 18), token: Token::Eof },
    );
}

#[test]
fn parser_test_fail_illegal_chr() {
    parser_fail("\0", &[], false, ParseError::IllegalChr { pos: 0, chr: '\0' });
    decode_fail(
        b"\xFF",
        &Limits::unlimited(),
        DecodeError::IllegalChr { pos: Pos::new(0, 0), chr: 0xFF },
    );
}

#[test]
fn parser_test_fail_illegal_chr_in_string() {
    parser_fail("\"\0", &[], false, ParseError::IllegalChrInString { pos: 1, chr: '\0' });
    decode_fail(
        b"\"\xFF",
        &Limits::unlimited(),
        DecodeError::IllegalChrInString { pos: Pos::new(0, 1), chr: 0xFF },
    );
}

#[test]
fn parser_test_fail_illegal_chr_in_comment() {
    parser_fail(
        "() ; \0",
        &[ParsedItem::ListStart(0), ParsedItem::ListEnd(1)],
        true,
        ParseError::IllegalChrInComment { pos: 5, chr: '\0' },
    );
    decode_fail(
        b"() ; \xFF",
        &Limits::unlimited(),
        DecodeError::IllegalChrInComment { pos: Pos::new(0, 5), chr: 0xFF },
    );
}

#[test]
fn test_fail_too_deep() {
    decode_fail(
        b"(())",
        &Limits::unlimited().max_depth(1),
        DecodeError::TooDeep { pos: Pos::new(0, 1) },
    );
}

#[test]
fn test_fail_atom_too_long() {
    decode_fail(
        b"1234",
        &Limits::unlimited().max_atom_len(3),
        DecodeError::AtomTooLong { pos: Pos::new(0, 0) },
    );
}

#[test]
fn test_fail_list_too_long() {
    decode_fail(
        b"(1 2 3 4)",
        &Limits::unlimited().max_list_len(3),
        DecodeError::ListTooLong { pos: Pos::new(0, 7) },
    );
}
