use sise::parser::{BytePos, Parser};
use sise::read_util::{NodeReadUtil, ReadUtilError};

#[test]
fn read_util_test_node_as_atom() {
    let src_data = "test";
    let mut parser = Parser::new(src_data);
    let node_read_util = NodeReadUtil::new(&mut parser).unwrap();
    assert_eq!(node_read_util.expect_atom().unwrap().into_atom(), "test");

    let src_data = "()";
    let mut parser = Parser::new(src_data);
    let node_read_util = NodeReadUtil::new(&mut parser).unwrap();
    let expected_err = ReadUtilError::ExpectedAtom { pos: BytePos(0) };
    assert_eq!(node_read_util.expect_atom().err().unwrap(), expected_err);
}

#[test]
fn read_util_test_node_as_list() {
    let src_data = "()";
    let mut parser = Parser::new(src_data);
    let node_read_util = NodeReadUtil::new(&mut parser).unwrap();
    assert!(node_read_util.expect_list().is_ok());

    let src_data = "test";
    let mut parser = Parser::new(src_data);
    let node_read_util = NodeReadUtil::new(&mut parser).unwrap();
    let expected_err = ReadUtilError::ExpectedListBeginning { pos: BytePos(0) };
    assert_eq!(node_read_util.expect_list().err().unwrap(), expected_err);
}

fn decode_u32(atom: &str) -> Option<u32> {
    std::str::FromStr::from_str(atom).ok()
}

#[test]
fn read_util_test_atom_decode() {
    let src_data = "77";
    let mut parser = Parser::new(src_data);
    let node_read_util = NodeReadUtil::new(&mut parser).unwrap();
    let atom_read_util = node_read_util.expect_atom().unwrap();
    assert_eq!(atom_read_util.decode(decode_u32, "u32").unwrap(), 77);

    let src_data = "invalid";
    let mut parser = Parser::new(src_data);
    let node_read_util = NodeReadUtil::new(&mut parser).unwrap();
    let atom_read_util = node_read_util.expect_atom().unwrap();
    let expected_err = ReadUtilError::InvalidValue {
        pos: BytePos(0),
        value_type: "u32".into(),
    };
    assert_eq!(
        atom_read_util.decode(decode_u32, "u32").err().unwrap(),
        expected_err
    );
}

#[test]
fn read_util_test_list_expect_end() {
    let src_data = "()";
    let mut parser = Parser::new(src_data);
    let node_read_util = NodeReadUtil::new(&mut parser).unwrap();
    let list_read_util = node_read_util.expect_list().unwrap();
    assert!(list_read_util.expect_ending().is_ok());

    let src_data = "(test)";
    let mut parser = Parser::new(src_data);
    let node_read_util = NodeReadUtil::new(&mut parser).unwrap();
    let list_read_util = node_read_util.expect_list().unwrap();
    let expected_err = ReadUtilError::ExpectedListEnding { pos: BytePos(1) };
    assert_eq!(list_read_util.expect_ending().err().unwrap(), expected_err);
}

#[test]
fn read_util_test_list_try_next_item() {
    let src_data = "(test-1 test-2)";
    let mut parser = Parser::new(src_data);
    let node_read_util = NodeReadUtil::new(&mut parser).unwrap();
    let mut list_read_util = node_read_util.expect_list().unwrap();
    assert_eq!(
        list_read_util
            .try_next_item()
            .unwrap()
            .unwrap()
            .expect_atom()
            .unwrap()
            .into_atom(),
        "test-1"
    );
    assert_eq!(
        list_read_util
            .try_next_item()
            .unwrap()
            .unwrap()
            .expect_atom()
            .unwrap()
            .into_atom(),
        "test-2"
    );
    assert!(list_read_util.try_next_item().unwrap().is_none());
}

#[test]
fn read_util_test_list_next_item() {
    let src_data = "(test-1 test-2)";
    let mut parser = Parser::new(src_data);
    let node_read_util = NodeReadUtil::new(&mut parser).unwrap();
    let mut list_read_util = node_read_util.expect_list().unwrap();
    assert_eq!(
        list_read_util
            .next_item()
            .unwrap()
            .expect_atom()
            .unwrap()
            .into_atom(),
        "test-1"
    );
    assert_eq!(
        list_read_util
            .next_item()
            .unwrap()
            .expect_atom()
            .unwrap()
            .into_atom(),
        "test-2"
    );
    let expected_err = ReadUtilError::ExpectedNodeInList { pos: BytePos(14) };
    assert_eq!(list_read_util.next_item().err().unwrap(), expected_err);
}

#[test]
fn read_util_test_list_decode_atoms() {
    let src_data = "(1 2)";
    let mut parser = Parser::new(src_data);
    let node_read_util = NodeReadUtil::new(&mut parser).unwrap();
    let list_read_util = node_read_util.expect_list().unwrap();
    let decoded = list_read_util
        .decode_atoms(decode_u32, "u32", false)
        .unwrap();
    assert_eq!(decoded, [1, 2]);

    let src_data = "()";
    let mut parser = Parser::new(src_data);
    let node_read_util = NodeReadUtil::new(&mut parser).unwrap();
    let list_read_util = node_read_util.expect_list().unwrap();
    let decoded = list_read_util
        .decode_atoms(decode_u32, "u32", true)
        .unwrap();
    assert_eq!(decoded, []);

    let src_data = "()";
    let mut parser = Parser::new(src_data);
    let node_read_util = NodeReadUtil::new(&mut parser).unwrap();
    let list_read_util = node_read_util.expect_list().unwrap();
    let expected_err = ReadUtilError::ExpectedNodeInList { pos: BytePos(1) };
    let result = list_read_util.decode_atoms(decode_u32, "u32", false);
    assert_eq!(result.err().unwrap(), expected_err);
}

#[test]
fn test_list_decode_atoms_errors() {
    // A list among the atoms.
    let src_data = "(1 (2))";
    let mut parser = Parser::new(src_data);
    let node_read_util = NodeReadUtil::new(&mut parser).unwrap();
    let list_read_util = node_read_util.expect_list().unwrap();
    let result = list_read_util.decode_atoms(decode_u32, "u32", true);
    assert_eq!(result.err().unwrap(), ReadUtilError::ExpectedAtom { pos: BytePos(3) });

    // An atom that does not decode.
    let src_data = "(1 x 3)";
    let mut parser = Parser::new(src_data);
    let node_read_util = NodeReadUtil::new(&mut parser).unwrap();
    let list_read_util = node_read_util.expect_list().unwrap();
    let result = list_read_util.decode_atoms(decode_u32, "u32", false);
    let expected_err = ReadUtilError::InvalidValue { pos: BytePos(3), value_type: "u32".into() };
    assert_eq!(result.err().unwrap(), expected_err);

    // An error of the reader.
    let src_data = "(1 2";
    let mut parser = Parser::new(src_data);
    let node_read_util = NodeReadUtil::new(&mut parser).unwrap();
    let list_read_util = node_read_util.expect_list().unwrap();
    let result = list_read_util.decode_atoms(decode_u32, "u32", false);
    assert_eq!(
        result.err().unwrap(),
        ReadUtilError::ReaderError(sise::parser::ParseError::UnexpectedEof { pos: 4 })
    );
}

#[test]
fn test_atom_read_util_accessors() {
    let mut parser = Parser::new("abc");
    let atom = NodeReadUtil::new(&mut parser).unwrap().expect_atom().unwrap();
    assert_eq!(*atom.pos(), BytePos(0));
    assert_eq!(*atom.atom(), "abc");
    assert_eq!(atom.into_pos_atom(), (BytePos(0), "abc"));

    let mut parser = Parser::new("(x)");
    let list = NodeReadUtil::new(&mut parser).unwrap().expect_list().unwrap();
    assert_eq!(*list.beginning_pos(), BytePos(0));
    assert_eq!(list.into_beginning_pos(), BytePos(0));
}
