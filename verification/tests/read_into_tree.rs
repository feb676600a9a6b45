use sise::decoder::Parser;
use sise::pos::Pos;
use sise::read_into_tree::read_into_tree;
use sise::reader::Reader as _;
use sise::tree::Node;
use sise::tree_with_pos::{self, read_into_tree_without_pos, PosTree, PosTreeList};

fn a(s: &str) -> Node {
    Node::Atom(s.to_string())
}

fn l(items: Vec<Node>) -> Node {
    Node::List(items)
}

fn ap(line: u32, column: u32) -> PosTree<Pos> {
    PosTree { pos: Pos::new(line, column), list: None }
}

fn lp(line: u32, column: u32, items: Vec<PosTree<Pos>>, end_line: u32, end_column: u32) -> PosTree<Pos> {
    PosTree {
        pos: Pos::new(line, column),
        list: Some(PosTreeList { items, ending_pos: Pos::new(end_line, end_column) }),
    }
}

fn run(src_data: &[u8], expected_tree: Node, expected_positions: PosTree<Pos>) {
    // without positions
    let mut parser = Parser::new(src_data);
    let root_node = read_into_tree(&mut parser).unwrap();
    parser.finish().unwrap();
    assert_eq!(root_node, expected_tree);

    // with position tree
    let mut parser = Parser::new(src_data);
    let (root_node, root_pos_tree) = tree_with_pos::read_into_tree(&mut parser).unwrap();
    parser.finish().unwrap();
    assert_eq!(root_node, expected_tree);
    assert_eq!(root_pos_tree, expected_positions);

    // with positions dropped
    let mut parser = Parser::new(src_data);
    let root_node = read_into_tree_without_pos(&mut parser).unwrap();
    parser.finish().unwrap();
    assert_eq!(root_node, expected_tree);
}

#[test]
fn read_into_tree_test_empty_list() {
    run(
        b"()",
        l(vec![]),
        lp(0, 0, vec![], 0, 1),
    );
}

#[test]
fn read_into_tree_test_single_atom() {
    run(
        b"atom",
        a("atom"),
        ap(0, 0),
    );
}

#[test]
fn read_into_tree_test_simple_list_1() {
    run(
        b"(atom-1)",
        l(vec![a("atom-1")]),
        lp(0, 0, vec![ap(0, 1)], 0, 7),
    );
}

#[test]
fn read_into_tree_test_simple_list_2() {
    run(
        b"(atom-1 atom-2)",
        l(vec![a("atom-1"), a("atom-2")]),
        lp(0, 0, vec![ap(0, 1), ap(0, 8)], 0, 14),
    );
}

#[test]
fn read_into_tree_test_nested_list_1() {
    run(
        b"(())",
        l(vec![l(vec![])]),
        lp(0, 0, vec![lp(0, 1, vec![], 0, 2)], 0, 3),
    );
}

#[test]
fn read_into_tree_test_nested_list_2() {
    run(
        b"(() ())",
        l(vec![l(vec![]), l(vec![])]),
        lp(0, 0, vec![lp(0, 1, vec![], 0, 2), lp(0, 4, vec![], 0, 5)], 0, 6),
    );
}

#[test]
fn read_into_tree_test_nested_list_3() {
    run(
        b"((atom-1) (atom-2 atom-3))",
        l(vec![l(vec![a("atom-1")]), l(vec![a("atom-2"), a("atom-3")])]),
        lp(
            0,
            0,
            vec![
                lp(0, 1, vec![ap(0, 2)], 0, 8),
                lp(0, 10, vec![ap(0, 11), ap(0, 18)], 0, 24),
            ],
            0,
            25,
        ),
    );
}
