use sise::decoder::{Error, Token};
use sise::parser::ParseError;
use sise::pos::{Pos, ReprPosValue};
use sise::read_error::ReadError;
use sise::read_util::ReadUtilError;

#[test]
fn test_repr_pos_value() {
    assert_eq!(ReprPosValue(0).to_string(), "1");
    assert_eq!(ReprPosValue(41).to_string(), "42");
    assert_eq!(ReprPosValue(u32::MAX).to_string(), "4294967296");
}

#[test]
fn test_decoder_error_messages() {
    let e = Error::IllegalChr { pos: Pos::new(0, 4), chr: 0x07 };
    assert_eq!(e.to_string(), "Illegal character 0x07 at 1:5");
    let e = Error::IllegalChrInString { pos: Pos::new(2, 0), chr: 0xFF };
    assert_eq!(e.to_string(), "Illegal character 0xFF in string at 3:1");
    let e = Error::IllegalChrInComment { pos: Pos::new(9, 10), chr: 0xA0 };
    assert_eq!(e.to_string(), "Illegal character 0xA0 in comment at 10:11");
    let e = Error::UnfinishedString { pos: Pos::new(0, 0) };
    assert_eq!(e.to_string(), "Unfinished string at 1:1");
    let e = Error::UnexpectedToken { pos: Pos::new(0, 2), token: Token::RightParen };
    assert_eq!(e.to_string(), "Unexpected token RightParen at 1:3");
    let e = Error::UnexpectedToken { pos: Pos::new(0, 0), token: Token::Eof };
    assert_eq!(e.to_string(), "Unexpected token Eof at 1:1");
    let e = Error::UnexpectedToken {
        pos: Pos::new(1, 1),
        token: Token::Atom("a\"b".to_string()),
    };
    assert_eq!(e.to_string(), "Unexpected token Atom(\"a\\\"b\") at 2:2");
    let e = Error::ExpectedEof { pos: Pos::new(0, 5) };
    assert_eq!(e.to_string(), "Expected end-of-file at 1:6");
    let e = Error::LineTooLong { line: u32::MAX };
    assert_eq!(e.to_string(), "Line 4294967296 too long");
    assert_eq!(Error::TooManyLines.to_string(), "Too many lines");
    let e = Error::TooDeep { pos: Pos::new(0, 1) };
    assert_eq!(e.to_string(), "Maximum depth exceeded at 1:2");
    let e = Error::AtomTooLong { pos: Pos::new(0, 1) };
    assert_eq!(e.to_string(), "Atom too long at 1:2");
    let e = Error::ListTooLong { pos: Pos::new(0, 1) };
    assert_eq!(e.to_string(), "List too long at 1:2");
    assert_eq!(e.description(), "List too long");
}

#[test]
fn test_parse_error_messages() {
    let e = ParseError::IllegalChr { pos: 3, chr: '\t' };
    assert_eq!(e.to_string(), "illegal character '\\t' at byte 3");
    let e = ParseError::IllegalChrInString { pos: 10, chr: 'é' };
    assert_eq!(e.to_string(), "illegal character 'é' in string at byte 10");
    let e = ParseError::IllegalChrInComment { pos: 7, chr: '\u{0}' };
    assert_eq!(e.to_string(), "illegal character '\\0' in comment at byte 7");
    let e = ParseError::UnfinishedString { pos: 1 };
    assert_eq!(e.to_string(), "unfinished string at byte 1");
    let e = ParseError::UnexpectedEof { pos: 12345 };
    assert_eq!(e.to_string(), "unexpected end-of-file at byte 12345");
    let e = ParseError::UnexpectedRightParen { pos: 0 };
    assert_eq!(e.to_string(), "unexpected `)` at byte 0");
    let e = ParseError::ExpectedEof { pos: 4 };
    assert_eq!(e.to_string(), "expected end-of-file at byte 4");
}

#[test]
fn test_read_error_messages() {
    let e = ReadError::ExpectedAtom { pos: None };
    assert_eq!(e.to_string(), "expected atom");
    assert_eq!(e.description(), "expected atom");
    let e = ReadError::ExpectedList { pos: Some(Pos::new(0, 0)) };
    assert_eq!(e.to_string(), "expected list at 1:1");
    let e = ReadError::ExpectedNodeInList { list_pos: Some(Pos::new(3, 4)) };
    assert_eq!(e.to_string(), "expected node in list at 4:5");
    let e = ReadError::UnexpectedNodeInList { node_pos: None };
    assert_eq!(e.to_string(), "unexpected node in list");
    let e = ReadError::InvalidValue { value_type: "u32".to_string(), pos: Some(Pos::new(1, 2)) };
    assert_eq!(e.to_string(), "invalid value of type \"u32\" at 2:3");
    assert_eq!(e.description(), "invalid value");
}

#[test]
fn test_read_util_error_messages() {
    let e: ReadUtilError<Error, Pos> = ReadUtilError::ReaderError(Error::TooManyLines);
    assert_eq!(e.to_string(), "reader error: Too many lines");
    assert_eq!(e.description(), "Too many lines");
    let e: ReadUtilError<Error, Pos> = ReadUtilError::ExpectedAtom { pos: Pos::new(0, 0) };
    assert_eq!(e.to_string(), "expected atom at 1:1");
    let e: ReadUtilError<Error, Pos> = ReadUtilError::ExpectedListBeginning { pos: Pos::new(0, 1) };
    assert_eq!(e.to_string(), "expected list beginning at 1:2");
    let e: ReadUtilError<Error, Pos> = ReadUtilError::ExpectedListEnding { pos: Pos::new(0, 1) };
    assert_eq!(e.to_string(), "expected list ending at 1:2");
    assert_eq!(e.description(), "expected list ending");
    let e: ReadUtilError<Error, Pos> = ReadUtilError::ExpectedNodeInList { pos: Pos::new(2, 0) };
    assert_eq!(e.to_string(), "expected node in list at 3:1");
    let e: ReadUtilError<Error, Pos> =
        ReadUtilError::InvalidValue { value_type: "u8".to_string(), pos: Pos::new(0, 3) };
    assert_eq!(e.to_string(), "invalid value of type \"u8\" at 1:4");

    let e: ReadUtilError<ParseError, ()> =
        ReadUtilError::ReaderError(ParseError::ExpectedEof { pos: 5 });
    assert_eq!(e.to_string(), "reader error: expected end-of-file at byte 5");
    assert_eq!(e.description(), "description() is deprecated; use Display");
    let e: ReadUtilError<ParseError, ()> =
        ReadUtilError::InvalidValue { value_type: "u32".to_string(), pos: () };
    assert_eq!(e.to_string(), "invalid value of type \"u32\"");
    let e: ReadUtilError<ParseError, ()> = ReadUtilError::ExpectedNodeInList { pos: () };
    assert_eq!(e.to_string(), "expected node in list");
    assert_eq!(e.description(), "expected node in list");
}
