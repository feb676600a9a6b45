use sise::parse_tree::parse_tree;
use sise::parser::Parser;
use sise::tree::TreeNode;

fn a(s: &str) -> TreeNode {
    TreeNode::Atom(s.to_string())
}

fn l(items: Vec<TreeNode>) -> TreeNode {
    TreeNode::List(items)
}

fn run(src_data: &str, expected_tree: TreeNode) {
    let mut parser = Parser::new(src_data);
    let root_node = parse_tree(&mut parser).unwrap();
    parser.finish().unwrap();
    assert_eq!(root_node, expected_tree);
}

#[test]
fn parse_tree_test_empty_list() {
    run("()", l(vec![]));
}

#[test]
fn parse_tree_test_single_atom() {
    run("atom", a("atom"));
}

#[test]
fn parse_tree_test_simple_list_1() {
    run("(atom-1)", l(vec![a("atom-1")]));
}

#[test]
fn parse_tree_test_simple_list_2() {
    run("(atom-1 atom-2)", l(vec![a("atom-1"), a("atom-2")]));
}

#[test]
fn parse_tree_test_nested_list_1() {
    run("(())", l(vec![l(vec![])]));
}

#[test]
fn parse_tree_test_nested_list_2() {
    run("(() ())", l(vec![l(vec![]), l(vec![])]));
}

#[test]
fn parse_tree_test_nested_list_3() {
    run("((atom-1) (atom-2 atom-3))", l(vec![l(vec![a("atom-1")]), l(vec![a("atom-2"), a("atom-3")])]));
}
