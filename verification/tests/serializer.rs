use sise::serializer::{serialize_tree, Serializer, SerializerStyle};
use sise::tree::TreeNode;

const STYLE: SerializerStyle<'static> = SerializerStyle {
    line_break: "\n",
    indentation: "\t",
};

fn a(s: &str) -> TreeNode {
    TreeNode::Atom(s.to_string())
}

fn l(items: Vec<TreeNode>) -> TreeNode {
    TreeNode::List(items)
}

fn serialize(root_node: &TreeNode, break_line_at: usize, line_break_at_end: bool) -> String {
    let mut serializer = Serializer::new(STYLE, String::new());
    serialize_tree(&mut serializer, root_node, break_line_at);
    serializer.finish(line_break_at_end)
}

fn run(root_node: TreeNode, expected_compact: &str, expected_spaced: &str) {
    assert_eq!(serialize(&root_node, usize::MAX, false), expected_compact);
    assert_eq!(serialize(&root_node, 0, false), expected_spaced);
}

/// Compact output has no final line break; spaced output ends with one.
fn run_with_final_line_break(root_node: TreeNode, expected_compact: &str, expected_spaced: &str) {
    assert_eq!(serialize(&root_node, usize::MAX, false), expected_compact);
    assert_eq!(serialize(&root_node, 0, true), expected_spaced);
}

#[test]
fn serializer_test_empty_list() {
    run(l(vec![]), "()", "()");
}

#[test]
fn serializer_test_single_atom() {
    run(a("atom"), "atom", "atom");
}

#[test]
fn serializer_test_list_with_one_atom() {
    run(l(vec![a("1")]), "(1)", "(1)");
}

#[test]
fn serializer_test_list_with_two_atoms() {
    run(l(vec![a("1"), a("2")]), "(1 2)", "(1\n\t2\n)");
}

#[test]
fn serializer_test_list_with_three_atoms() {
    run(l(vec![a("1"), a("2"), a("3")]), "(1 2 3)", "(1\n\t2\n\t3\n)");
}

#[test]
fn serializer_test_nested_list_1() {
    run(l(vec![l(vec![])]), "(())", "(\n\t()\n)");
}

#[test]
fn serializer_test_nested_list_2() {
    run(l(vec![l(vec![]), l(vec![])]), "(() ())", "(\n\t()\n\t()\n)");
}

#[test]
fn serializer_test_mixed() {
    run(
        l(vec![
            a("atom-1"),
            l(vec![a("atom-2")]),
            l(vec![a("atom-3"), l(vec![a("atom-4")]), a("atom-5")]),
            a("atom-6"),
        ]),
        "(atom-1 (atom-2) (atom-3 (atom-4) atom-5) atom-6)",
        "(atom-1\n\t(atom-2)\n\t(atom-3\n\t\t(atom-4)\n\t\tatom-5\n\t)\n\tatom-6\n)",
    );
}

#[test]
fn serializer_test_spaced_with_keep_line_1() {
    let mut serializer = Serializer::new(STYLE, String::new());

    serializer.begin_list(usize::MAX);
    serializer.put_atom("atom", usize::MAX);
    serializer.begin_list(0);
    serializer.put_atom("1", usize::MAX);
    serializer.put_atom("2", usize::MAX);
    serializer.put_atom("3", usize::MAX);
    serializer.end_list();
    serializer.begin_list(0);
    serializer.put_atom("a", usize::MAX);
    serializer.put_atom("b", usize::MAX);
    serializer.put_atom("c", usize::MAX);
    serializer.end_list();
    serializer.end_list();
    let result = serializer.finish(false);

    let expected = "(atom\n\t(1 2 3)\n\t(a b c)\n)";
    assert_eq!(result, expected);
}

#[test]
fn serializer_test_spaced_with_keep_line_2() {
    let mut serializer = Serializer::new(STYLE, String::new());

    serializer.begin_list(usize::MAX);
    serializer.put_atom("atom", usize::MAX);
    serializer.begin_list(0);
    serializer.put_atom("1", usize::MAX);
    serializer.put_atom("2", usize::MAX);
    serializer.put_atom("3", usize::MAX);
    serializer.end_list();
    serializer.begin_list(usize::MAX);
    serializer.put_atom("a", usize::MAX);
    serializer.put_atom("b", usize::MAX);
    serializer.put_atom("c", usize::MAX);
    serializer.end_list();
    serializer.end_list();
    let result = serializer.finish(false);

    let expected = "(atom\n\t(1 2 3) (a b c)\n)";
    assert_eq!(result, expected);
}

#[test]
fn serializer_test_spaced_with_keep_line_3() {
    let mut serializer = Serializer::new(STYLE, String::new());

    serializer.begin_list(usize::MAX);
    serializer.put_atom("atom", usize::MAX);
    serializer.begin_list(0);
    serializer.put_atom("1", usize::MAX);
    serializer.put_atom("2", usize::MAX);
    serializer.put_atom("3", 0);
    serializer.end_list();
    serializer.begin_list(0);
    serializer.put_atom("a", usize::MAX);
    serializer.put_atom("b", usize::MAX);
    serializer.put_atom("c", 0);
    serializer.end_list();
    serializer.end_list();
    let result = serializer.finish(false);

    let expected = "(atom\n\t(1 2\n\t\t3\n\t)\n\t(a b\n\t\tc\n\t)\n)";
    assert_eq!(result, expected);
}

#[test]
fn tests_test_empty_list() {
    run_with_final_line_break(l(vec![]), "()", "()\n");
}

#[test]
fn tests_test_single_atom() {
    run_with_final_line_break(a("atom"), "atom", "atom\n");
}

#[test]
fn tests_test_list_with_one_atom() {
    run_with_final_line_break(l(vec![a("1")]), "(1)", "(1)\n");
}

#[test]
fn tests_test_list_with_two_atoms() {
    run_with_final_line_break(l(vec![a("1"), a("2")]), "(1 2)", "(1\n\t2\n)\n");
}

#[test]
fn tests_test_list_with_three_atoms() {
    run_with_final_line_break(l(vec![a("1"), a("2"), a("3")]), "(1 2 3)", "(1\n\t2\n\t3\n)\n");
}

#[test]
fn test_nested_list() {
    run_with_final_line_break(l(vec![l(vec![])]), "(())", "(\n\t()\n)\n");
}

#[test]
fn test_list_with_atom_and_list() {
    run_with_final_line_break(l(vec![a("atom"), l(vec![])]), "(atom ())", "(atom\n\t()\n)\n");
}

#[test]
fn tests_test_spaced_with_keep_line_1() {
    // (atom (1 2 3) (a b c)), keeping "2", "3", "b" and "c" on the line
    // of the node before them.
    let mut serializer = Serializer::new(STYLE, String::new());
    serializer.begin_list(0);
    serializer.put_atom("atom", usize::MAX);
    serializer.begin_list(0);
    serializer.put_atom("1", usize::MAX);
    serializer.put_atom("2", usize::MAX);
    serializer.put_atom("3", usize::MAX);
    serializer.end_list();
    serializer.begin_list(0);
    serializer.put_atom("a", usize::MAX);
    serializer.put_atom("b", usize::MAX);
    serializer.put_atom("c", usize::MAX);
    serializer.end_list();
    serializer.end_list();
    let result = serializer.finish(true);
    assert_eq!(result, "(atom\n\t(1 2 3)\n\t(a b c)\n)\n");
}

#[test]
fn tests_test_spaced_with_keep_line_2() {
    // (atom (1 2 3) (a b c)), keeping only "2" and "b" on the line of the
    // node before them.
    let mut serializer = Serializer::new(STYLE, String::new());
    serializer.begin_list(0);
    serializer.put_atom("atom", usize::MAX);
    serializer.begin_list(0);
    serializer.put_atom("1", usize::MAX);
    serializer.put_atom("2", usize::MAX);
    serializer.put_atom("3", 0);
    serializer.end_list();
    serializer.begin_list(0);
    serializer.put_atom("a", usize::MAX);
    serializer.put_atom("b", usize::MAX);
    serializer.put_atom("c", 0);
    serializer.end_list();
    serializer.end_list();
    let result = serializer.finish(true);
    assert_eq!(result, "(atom\n\t(1 2\n\t\t3\n\t)\n\t(a b\n\t\tc\n\t)\n)\n");
}

#[test]
fn test_serializer_appends_and_uses_style() {
    let style = SerializerStyle {
        line_break: "\r\n",
        indentation: "  ",
    };
    let mut serializer = Serializer::new(style, String::from("; x\r\n"));
    serialize_tree(&mut serializer, &l(vec![a("k"), l(vec![a("v")])]), 0);
    assert_eq!(serializer.finish(true), "; x\r\n(k\r\n  (v)\r\n)\r\n");
}

#[test]
fn test_serializer_breaks_at_line_length() {
    // Each node after the first goes on a new line once the line has
    // reached 6 bytes.
    let root = l(vec![a("ab"), a("cd"), a("ef"), a("gh")]);
    assert_eq!(serialize(&root, 6, false), "(ab cd\n\tef gh\n)");
}
