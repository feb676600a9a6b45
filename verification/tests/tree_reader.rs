use sise::reader::{ReadItem, ReadItemKind, Reader as _};
use sise::tree::Node;
use sise::tree_reader::TreeReader;

fn a(s: &str) -> Node {
    Node::Atom(s.to_string())
}

fn l(items: Vec<Node>) -> Node {
    Node::List(items)
}

fn lb() -> ReadItem<&'static str, ()> {
    ReadItem { pos: (), kind: ReadItemKind::ListBeginning }
}

fn le() -> ReadItem<&'static str, ()> {
    ReadItem { pos: (), kind: ReadItemKind::ListEnding }
}

fn at(s: &'static str) -> ReadItem<&'static str, ()> {
    ReadItem { pos: (), kind: ReadItemKind::Atom(s) }
}

fn run(tree: Node, expected_items: &[ReadItem<&str, ()>]) {
    let mut reader = TreeReader::new(&tree);
    for read_item in expected_items.iter() {
        assert_eq!(reader.read().unwrap(), *read_item);
    }
    reader.finish().unwrap();
}

#[test]
fn tree_reader_test_empty_list() {
    run(
        l(vec![]),
        &[lb(), le()],
    );
}

#[test]
fn tree_reader_test_single_atom() {
    run(
        a("atom"),
        &[at("atom")],
    );
}

#[test]
fn tree_reader_test_simple_list_1() {
    run(
        l(vec![a("atom-1")]),
        &[lb(), at("atom-1"), le()],
    );
}

#[test]
fn tree_reader_test_simple_list_2() {
    run(
        l(vec![a("atom-1"), a("atom-2")]),
        &[lb(), at("atom-1"), at("atom-2"), le()],
    );
}

#[test]
fn tree_reader_test_nested_list_1() {
    run(
        l(vec![l(vec![])]),
        &[lb(), lb(), le(), le()],
    );
}

#[test]
fn tree_reader_test_nested_list_2() {
    run(
        l(vec![l(vec![]), l(vec![])]),
        &[lb(), lb(), le(), lb(), le(), le()],
    );
}

#[test]
fn tree_reader_test_nested_list_3() {
    run(
        l(vec![l(vec![a("atom-1")]), l(vec![a("atom-2"), a("atom-3")])]),
        &[lb(), lb(), at("atom-1"), le(), lb(), at("atom-2"), at("atom-3"), le(), le()],
    );
}

#[test]
fn tree_reader_test_nested_lists() {
    run(
        l(vec![l(vec![l(vec![l(vec![l(vec![l(vec![l(vec![l(vec![l(vec![l(vec![])])])])])])])])])]),
        &[lb(), lb(), lb(), lb(), lb(), lb(), lb(), lb(), lb(), lb(), le(), le(), le(), le(), le(), le(), le(), le(), le(), le()],
    );
}

#[test]
fn tree_reader_test_mixed() {
    run(
        l(vec![a("atom-1"), l(vec![a("atom-2")]), l(vec![a("atom-3"), l(vec![a("atom-4")]), a("atom-5")]), a("atom-6")]),
        &[lb(), at("atom-1"), lb(), at("atom-2"), le(), lb(), at("atom-3"), lb(), at("atom-4"), le(), at("atom-5"), le(), at("atom-6"), le()],
    );
}
