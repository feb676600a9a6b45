use sise::atom;
use sise::compact_string_writer::CompactStringWriter;
use sise::decoder::{parse, Limits};
use sise::parse_tree::parse_tree;
use sise::parser::{ParsedItem, Parser};
use sise::read_into_tree::read_into_tree;
use sise::reader::Reader as _;
use sise::serializer::{serialize_tree, Serializer, SerializerStyle};
use sise::tree::{Node, TreeNode};
use sise::tree_reader::TreeReader;
use sise::tree_writer::TreeWriter;
use sise::util::check_atom;
use sise::write_from_tree::write_from_tree;
use sise::writer::Writer as _;

fn a(s: &str) -> Node {
    Node::Atom(s.to_string())
}

fn l(items: Vec<Node>) -> Node {
    Node::List(items)
}

fn to_tree_node(n: &Node) -> TreeNode {
    match n {
        Node::Atom(s) => TreeNode::Atom(s.clone()),
        Node::List(items) => TreeNode::List(items.iter().map(to_tree_node).collect()),
    }
}

fn sample_trees() -> Vec<Node> {
    vec![
        a("atom"),
        a("\"with spaces\""),
        l(vec![]),
        l(vec![a("1"), l(vec![]), l(vec![a("x"), l(vec![a("y")])]), a("\"s t\"")]),
        l(vec![l(vec![l(vec![])]), a("pre\"mid\"post")]),
    ]
}

#[test]
fn test_compact_write_then_parse_gives_the_tree() {
    for tree in sample_trees() {
        let mut writer = CompactStringWriter::new(String::new());
        write_from_tree(&mut writer, &tree).unwrap();
        let text = writer.finish(()).unwrap();

        let mut parser = Parser::new(&text);
        let parsed = parse_tree(&mut parser).unwrap();
        parser.finish().unwrap();
        assert_eq!(parsed, to_tree_node(&tree));

        let (decoded, _) = parse(text.as_bytes(), &Limits::unlimited()).unwrap();
        assert_eq!(decoded, tree);
    }
}

#[test]
fn test_tree_writer_builds_the_tree() {
    for tree in sample_trees() {
        let mut writer = TreeWriter::new();
        write_from_tree(&mut writer, &tree).unwrap();
        assert_eq!(writer.finish(()).unwrap(), tree);
    }
}

#[test]
fn test_tree_reader_reads_back_the_tree() {
    for tree in sample_trees() {
        let mut reader = TreeReader::new(&tree);
        let read = read_into_tree(&mut reader).unwrap();
        reader.finish().unwrap();
        assert_eq!(read, tree);
    }
}

#[test]
fn test_atom_roundtrips() {
    for v in [i64::MIN, -1, 0, 7, i64::MAX] {
        assert_eq!(atom::decode_i64(&atom::encode_i64(v)), Some(v));
    }
    for v in [0u128, 1, u128::MAX] {
        assert_eq!(atom::decode_u128(&atom::encode_u128(v)), Some(v));
    }
    let bytes: Vec<u8> = (0u8..=255).collect();
    assert_eq!(atom::decode_byte_string(&atom::encode_byte_string(&bytes)), Some(bytes));
    let ascii = "tab\tquote\"back\\slash\u{7f}";
    assert_eq!(atom::decode_ascii_string(&atom::encode_ascii_string(ascii)).as_deref(), Some(ascii));
    let text = "ünï\u{1F600}code\n\"";
    assert_eq!(atom::decode_utf8_string(&atom::encode_utf8_string(text)).as_deref(), Some(text));
}

#[test]
fn test_serializer_without_line_breaks_writes_compact_text() {
    for tree in sample_trees() {
        let mut writer = CompactStringWriter::new(String::new());
        write_from_tree(&mut writer, &tree).unwrap();
        let compact = writer.finish(()).unwrap();

        let style = SerializerStyle { line_break: "\r\n", indentation: "    " };
        let mut serializer = Serializer::new(style, String::new());
        serialize_tree(&mut serializer, &to_tree_node(&tree), usize::MAX);
        assert_eq!(serializer.finish(false), compact);
    }
}

#[test]
fn test_parser_item_offsets_increase() {
    let data = "(head (1 2 3) \"a b\" ; comment\n tail)";
    let mut parser = Parser::new(data);
    let mut offsets = Vec::new();
    loop {
        let item = parser.next_item().unwrap();
        let (offset, done) = match item {
            ParsedItem::Atom(atom, offset) => {
                assert_eq!(&data[offset..offset + atom.len()], atom);
                assert!(check_atom(atom));
                (offset, false)
            }
            ParsedItem::ListStart(offset) => {
                assert_eq!(data.as_bytes()[offset], b'(');
                (offset, false)
            }
            ParsedItem::ListEnd(offset) => {
                assert_eq!(data.as_bytes()[offset], b')');
                (offset, offset == data.len() - 1)
            }
        };
        offsets.push(offset);
        if done {
            break;
        }
    }
    parser.finish().unwrap();
    assert_eq!(offsets, vec![0, 1, 6, 7, 9, 11, 12, 14, 31, 35]);
    for k in 1..offsets.len() {
        assert!(offsets[k - 1] < offsets[k]);
    }
}

#[test]
fn test_parse_tree_consumes_only_the_node() {
    let mut parser = Parser::new("(head (1 2 3) tail)");
    assert_eq!(parser.next_item().unwrap(), ParsedItem::ListStart(0));
    assert_eq!(parser.next_item().unwrap(), ParsedItem::Atom("head", 1));
    let sub = parse_tree(&mut parser).unwrap();
    let expected = TreeNode::List(vec![
        TreeNode::Atom(String::from("1")),
        TreeNode::Atom(String::from("2")),
        TreeNode::Atom(String::from("3")),
    ]);
    assert_eq!(sub, expected);
    assert_eq!(parser.next_item().unwrap(), ParsedItem::Atom("tail", 14));
    assert_eq!(parser.next_item().unwrap(), ParsedItem::ListEnd(18));
    parser.finish().unwrap();
}
