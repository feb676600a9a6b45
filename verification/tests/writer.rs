use sise::compact_string_writer::CompactStringWriter;
use sise::spaced_string_writer::{
    SpacedStringWriter, SpacedStringWriterNodeOptions, SpacedStringWriterStyle,
};
use sise::tree::Node;
use sise::tree_writer::TreeWriter;
use sise::write_from_tree::write_from_tree;
use sise::writer::Writer as _;

const SPACED_STYLE: SpacedStringWriterStyle<'static> = SpacedStringWriterStyle {
    line_break: "\n",
    indentation: "\t",
};

fn a(s: &str) -> Node {
    Node::Atom(s.to_string())
}

fn l(items: Vec<Node>) -> Node {
    Node::List(items)
}

fn run(root_node: Node, expected_compact: &str, expected_spaced: &str) {
    // compact
    let mut writer = CompactStringWriter::new(String::new());
    write_from_tree(&mut writer, &root_node).unwrap();
    let result = writer.finish(()).unwrap();
    assert_eq!(result, expected_compact);

    // spaced
    let mut writer = SpacedStringWriter::new(SPACED_STYLE, String::new());
    write_from_tree(&mut writer, &root_node).unwrap();
    let result = writer.finish(()).unwrap();
    assert_eq!(result, expected_spaced);

    // tree
    let mut writer = TreeWriter::new();
    write_from_tree(&mut writer, &root_node).unwrap();
    let result = writer.finish(()).unwrap();
    assert_eq!(result, root_node);
}

#[test]
fn writer_test_empty_list() {
    run(l(vec![]), "()", "()");
}

#[test]
fn writer_test_single_atom() {
    run(a("atom"), "atom", "atom");
}

#[test]
fn writer_test_list_with_one_atom() {
    run(l(vec![a("1")]), "(1)", "(1)");
}

#[test]
fn writer_test_list_with_two_atoms() {
    run(l(vec![a("1"), a("2")]), "(1 2)", "(1\n\t2\n)");
}

#[test]
fn writer_test_list_with_three_atoms() {
    run(l(vec![a("1"), a("2"), a("3")]), "(1 2 3)", "(1\n\t2\n\t3\n)");
}

#[test]
fn writer_test_nested_list_1() {
    run(l(vec![l(vec![])]), "(())", "(\n\t()\n)");
}

#[test]
fn writer_test_nested_list_2() {
    run(l(vec![l(vec![]), l(vec![])]), "(() ())", "(\n\t()\n\t()\n)");
}

#[test]
fn writer_test_mixed() {
    run(
        l(vec![
            a("atom-1"),
            l(vec![a("atom-2")]),
            l(vec![a("atom-3"), l(vec![a("atom-4")]), a("atom-5")]),
            a("atom-6"),
        ]),
        "(atom-1 (atom-2) (atom-3 (atom-4) atom-5) atom-6)",
        "(atom-1\n\t(atom-2)\n\t(atom-3\n\t\t(atom-4)\n\t\tatom-5\n\t)\n\tatom-6\n)",
    );
}

#[test]
fn writer_test_spaced_with_keep_line_1() {
    let mut writer = SpacedStringWriter::new(SPACED_STYLE, String::new());

    let no_break_line_opts = SpacedStringWriterNodeOptions {
        break_line_len: usize::MAX,
    };
    let break_line_opts = SpacedStringWriterNodeOptions { break_line_len: 0 };

    writer.begin_list(no_break_line_opts).unwrap();
    writer.write_atom("atom", no_break_line_opts).unwrap();
    writer.begin_list(break_line_opts).unwrap();
    writer.write_atom("1", no_break_line_opts).unwrap();
    writer.write_atom("2", no_break_line_opts).unwrap();
    writer.write_atom("3", no_break_line_opts).unwrap();
    writer.end_list(()).unwrap();
    writer.begin_list(break_line_opts).unwrap();
    writer.write_atom("a", no_break_line_opts).unwrap();
    writer.write_atom("b", no_break_line_opts).unwrap();
    writer.write_atom("c", no_break_line_opts).unwrap();
    writer.end_list(()).unwrap();
    writer.end_list(()).unwrap();
    let result = writer.finish(()).unwrap();

    let expected = "(atom\n\t(1 2 3)\n\t(a b c)\n)";
    assert_eq!(result, expected);
}

#[test]
fn writer_test_spaced_with_keep_line_2() {
    let mut writer = SpacedStringWriter::new(SPACED_STYLE, String::new());

    let no_break_line_opts = SpacedStringWriterNodeOptions {
        break_line_len: usize::MAX,
    };
    let break_line_opts = SpacedStringWriterNodeOptions { break_line_len: 0 };

    writer.begin_list(no_break_line_opts).unwrap();
    writer.write_atom("atom", no_break_line_opts).unwrap();
    writer.begin_list(break_line_opts).unwrap();
    writer.write_atom("1", no_break_line_opts).unwrap();
    writer.write_atom("2", no_break_line_opts).unwrap();
    writer.write_atom("3", no_break_line_opts).unwrap();
    writer.end_list(()).unwrap();
    writer.begin_list(no_break_line_opts).unwrap();
    writer.write_atom("a", no_break_line_opts).unwrap();
    writer.write_atom("b", no_break_line_opts).unwrap();
    writer.write_atom("c", no_break_line_opts).unwrap();
    writer.end_list(()).unwrap();
    writer.end_list(()).unwrap();
    let result = writer.finish(()).unwrap();

    let expected = "(atom\n\t(1 2 3) (a b c)\n)";
    assert_eq!(result, expected);
}

#[test]
fn writer_test_spaced_with_keep_line_3() {
    let mut writer = SpacedStringWriter::new(SPACED_STYLE, String::new());

    let no_break_line_opts = SpacedStringWriterNodeOptions {
        break_line_len: usize::MAX,
    };
    let break_line_opts = SpacedStringWriterNodeOptions { break_line_len: 0 };

    writer.begin_list(no_break_line_opts).unwrap();
    writer.write_atom("atom", no_break_line_opts).unwrap();
    writer.begin_list(break_line_opts).unwrap();
    writer.write_atom("1", no_break_line_opts).unwrap();
    writer.write_atom("2", no_break_line_opts).unwrap();
    writer.write_atom("3", break_line_opts).unwrap();
    writer.end_list(()).unwrap();
    writer.begin_list(break_line_opts).unwrap();
    writer.write_atom("a", no_break_line_opts).unwrap();
    writer.write_atom("b", no_break_line_opts).unwrap();
    writer.write_atom("c", break_line_opts).unwrap();
    writer.end_list(()).unwrap();
    writer.end_list(()).unwrap();
    let result = writer.finish(()).unwrap();

    let expected = "(atom\n\t(1 2\n\t\t3\n\t)\n\t(a b\n\t\tc\n\t)\n)";
    assert_eq!(result, expected);
}

#[test]
fn test_writers_append_to_initial_text() {
    let mut writer = CompactStringWriter::new(String::from("x = "));
    write_from_tree(&mut writer, &l(vec![a("1"), a("2")])).unwrap();
    assert_eq!(writer.finish(()).unwrap(), "x = (1 2)");

    let mut writer = SpacedStringWriter::new(SPACED_STYLE, String::from("> "));
    write_from_tree(&mut writer, &l(vec![a("1"), a("2")])).unwrap();
    assert_eq!(writer.finish(()).unwrap(), "> (1\n\t2\n)");
}

#[test]
fn test_spaced_writer_other_style() {
    let style = SpacedStringWriterStyle {
        line_break: "\r\n",
        indentation: "  ",
    };
    let mut writer = SpacedStringWriter::new(style, String::new());
    assert_eq!(writer.get_style(), style);
    write_from_tree(&mut writer, &l(vec![a("a"), l(vec![a("b"), a("c")])])).unwrap();
    assert_eq!(writer.finish(()).unwrap(), "(a\r\n  (b\r\n    c\r\n  )\r\n)");
}

#[test]
fn test_spaced_break_line_at_length() {
    // The second atom starts a new line only once the line is 4 bytes long.
    let mut writer = SpacedStringWriter::new(SPACED_STYLE, String::new());
    let at4 = SpacedStringWriterNodeOptions { break_line_len: 4 };
    writer.begin_list(at4).unwrap();
    writer.write_atom("ab", at4).unwrap();
    writer.write_atom("c", at4).unwrap();
    writer.write_atom("d", at4).unwrap();
    writer.end_list(()).unwrap();
    assert_eq!(writer.finish(()).unwrap(), "(ab c\n\td\n)");
}

#[test]
fn test_spaced_default_options_break_every_node() {
    let style = SpacedStringWriterStyle {
        line_break: "\n",
        indentation: " ",
    };
    let d = SpacedStringWriterNodeOptions::default;
    let mut writer = SpacedStringWriter::new(style, String::new());
    writer.begin_list(d()).unwrap();
    writer.write_atom("example", d()).unwrap();
    writer.begin_list(d()).unwrap();
    writer.write_atom("1", d()).unwrap();
    writer.write_atom("2", d()).unwrap();
    writer.write_atom("3", d()).unwrap();
    writer.end_list(()).unwrap();
    writer.begin_list(d()).unwrap();
    writer.write_atom("a", d()).unwrap();
    writer.write_atom("b", d()).unwrap();
    writer.write_atom("c", d()).unwrap();
    writer.end_list(()).unwrap();
    writer.end_list(()).unwrap();
    let result = writer.finish(()).unwrap();
    assert_eq!(result, "(\n example\n (\n  1\n  2\n  3\n )\n (\n  a\n  b\n  c\n )\n)");
}

#[test]
fn test_spaced_options_keep_nodes_on_one_line() {
    let style = SpacedStringWriterStyle {
        line_break: "\n",
        indentation: " ",
    };
    let keep = SpacedStringWriterNodeOptions::no_break_line;
    let brk = SpacedStringWriterNodeOptions::break_line;
    let mut writer = SpacedStringWriter::new(style, String::new());
    writer.begin_list(SpacedStringWriterNodeOptions::default()).unwrap();
    writer.write_atom("example", keep()).unwrap();
    writer.begin_list(brk()).unwrap();
    writer.write_atom("1", keep()).unwrap();
    writer.write_atom("2", keep()).unwrap();
    writer.write_atom("3", keep()).unwrap();
    writer.end_list(()).unwrap();
    writer.begin_list(brk()).unwrap();
    writer.write_atom("a", keep()).unwrap();
    writer.write_atom("b", keep()).unwrap();
    writer.write_atom("c", keep()).unwrap();
    writer.end_list(()).unwrap();
    writer.end_list(()).unwrap();
    let result = writer.finish(()).unwrap();
    assert_eq!(result, "(example\n (1 2 3)\n (a b c)\n)");
}
